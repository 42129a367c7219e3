//! The storage engine: the append path with file rotation, point reads,
//! deletion, and the bootstrap replay that rebuilds the index at open.

use vstd::prelude::*;
use crate::data::data_file::DataFile;
use crate::data::log_record::{
    encoded_len, entry_parses, lemma_scan_append, lemma_scan_end_bounds,
    lemma_scan_entries_parse, lemma_scan_take, parse_at, record_valid, scan_clean, scan_end,
    scan_entries, LogEntry, LogRecord, LogRecordPos, LogRecordType, LogRecordView,
};
use crate::errors::Errors;
use crate::fio::IOManager;
use crate::index::btree::BTree;
use crate::index::{create_indexer, Indexer};
use crate::options::{IndexType, Options};

verus! {

/// The id of the data file a fresh directory starts with.
pub const INITIAL_FILE_ID: u32 = 0;

// ------------------------------------------------------------------
// Byte handles at the public interface
// ------------------------------------------------------------------

#[verifier::external_type_specification]
#[verifier::external_body]
pub struct ExBytes(bytes::Bytes);

/// The bytes a `bytes::Bytes` handle holds.
pub uninterp spec fn bytes_contents(b: bytes::Bytes) -> Seq<u8>;

/// Relies on `<bytes::Bytes as From<Vec<u8>>>::from`: the returned handle
/// holds exactly the bytes of the vector.
#[verifier::external_body]
fn bytes_from_vec(v: Vec<u8>) -> (b: bytes::Bytes)
    ensures
        bytes_contents(b) == v@,
{
    bytes::Bytes::from(v)
}

/// Relies on `<[u8]>::to_vec`, reached through `bytes::Bytes`'s deref to a
/// byte slice: the returned vector copies exactly the bytes the handle
/// holds.
#[verifier::external_body]
fn bytes_to_vec(b: &bytes::Bytes) -> (v: Vec<u8>)
    ensures
        v@ == bytes_contents(*b),
{
    b.to_vec()
}

// ------------------------------------------------------------------
// Replaying a log at the specification level
// ------------------------------------------------------------------

/// One log entry applied to an index mapping.
pub open spec fn apply_entry_index(
    m: Map<Seq<u8>, LogRecordPos>,
    e: LogEntry,
) -> Map<Seq<u8>, LogRecordPos> {
    match e.rec.record_type {
        LogRecordType::NORMAL => m.insert(e.rec.key, e.pos),
        LogRecordType::DELETE => m.remove(e.rec.key),
    }
}

/// One log entry applied to a key/value mapping.
pub open spec fn apply_entry_model(
    m: Map<Seq<u8>, Seq<u8>>,
    e: LogEntry,
) -> Map<Seq<u8>, Seq<u8>> {
    match e.rec.record_type {
        LogRecordType::NORMAL => m.insert(e.rec.key, e.rec.value),
        LogRecordType::DELETE => m.remove(e.rec.key),
    }
}

/// The index mapping that replaying `entries` on top of `m` leaves behind.
pub open spec fn replay_index_from(
    m: Map<Seq<u8>, LogRecordPos>,
    entries: Seq<LogEntry>,
) -> Map<Seq<u8>, LogRecordPos>
    decreases entries.len(),
{
    if entries.len() == 0 {
        m
    } else {
        apply_entry_index(replay_index_from(m, entries.drop_last()), entries.last())
    }
}

/// The index mapping a log denotes.
pub open spec fn replay_index(entries: Seq<LogEntry>) -> Map<Seq<u8>, LogRecordPos> {
    replay_index_from(Map::empty(), entries)
}

/// The key/value mapping that replaying `entries` on top of `m` leaves
/// behind.
pub open spec fn replay_model_from(
    m: Map<Seq<u8>, Seq<u8>>,
    entries: Seq<LogEntry>,
) -> Map<Seq<u8>, Seq<u8>>
    decreases entries.len(),
{
    if entries.len() == 0 {
        m
    } else {
        apply_entry_model(replay_model_from(m, entries.drop_last()), entries.last())
    }
}

/// The key/value mapping a log denotes: the last-written value of every
/// live key.
pub open spec fn replay_model(entries: Seq<LogEntry>) -> Map<Seq<u8>, Seq<u8>> {
    replay_model_from(Map::empty(), entries)
}

/// `new_log` is `old_log` with exactly the record `rec` appended, at
/// position `pos`. No record is ever moved or rewritten: the log only
/// grows at its end.
pub open spec fn log_appended(
    old_log: Seq<LogEntry>,
    new_log: Seq<LogEntry>,
    pos: LogRecordPos,
    rec: LogRecordView,
) -> bool {
    new_log == old_log + seq![LogEntry { pos, rec }]
}

/// Some tombstone of `entries`, replayed on top of `m`, deletes a key that
/// is not live at its point — the one way an index update can fail during
/// replay. An engine only appends a tombstone for a live key, so this
/// marks a log the engine did not write.
pub open spec fn dangling_tombstone_from(
    m: Map<Seq<u8>, LogRecordPos>,
    entries: Seq<LogEntry>,
) -> bool {
    exists|n: int|
        0 <= n < entries.len() && (#[trigger] entries[n]).rec.record_type == LogRecordType::DELETE
            && !replay_index_from(m, entries.take(n)).contains_key(entries[n].rec.key)
}

pub proof fn lemma_replay_index_concat(
    m: Map<Seq<u8>, LogRecordPos>,
    a: Seq<LogEntry>,
    b: Seq<LogEntry>,
)
    ensures
        replay_index_from(m, a + b) == replay_index_from(replay_index_from(m, a), b),
    decreases b.len(),
{
    if b.len() == 0 {
        assert(a + b =~= a);
    } else {
        lemma_replay_index_concat(m, a, b.drop_last());
        assert((a + b).drop_last() =~= a + b.drop_last());
        assert((a + b).last() == b.last());
    }
}

/// The replayed index and the replayed model are in step: they hold the
/// same keys, and each key's indexed position is the position of a
/// `NORMAL` log entry that carries the key's current value.
pub proof fn lemma_replay_entry_exists(entries: Seq<LogEntry>)
    ensures
        replay_index(entries).dom() == replay_model(entries).dom(),
        forall|k: Seq<u8>|
            #[trigger] replay_index(entries).contains_key(k) ==> entries.contains(
                LogEntry {
                    pos: replay_index(entries)[k],
                    rec: LogRecordView {
                        key: k,
                        value: replay_model(entries)[k],
                        record_type: LogRecordType::NORMAL,
                    },
                },
            ),
    decreases entries.len(),
{
    if entries.len() == 0 {
        assert(replay_index(entries).dom() =~= replay_model(entries).dom());
    } else {
        let prefix = entries.drop_last();
        let e = entries.last();
        lemma_replay_entry_exists(prefix);
        assert(replay_index(entries) == apply_entry_index(replay_index(prefix), e));
        assert(replay_model(entries) == apply_entry_model(replay_model(prefix), e));
        assert(replay_index(entries).dom() =~= replay_model(entries).dom());
        assert forall|k: Seq<u8>| #[trigger] replay_index(entries).contains_key(k) implies entries
            .contains(
            LogEntry {
                pos: replay_index(entries)[k],
                rec: LogRecordView {
                    key: k,
                    value: replay_model(entries)[k],
                    record_type: LogRecordType::NORMAL,
                },
            },
        ) by {
            let want = LogEntry {
                pos: replay_index(entries)[k],
                rec: LogRecordView {
                    key: k,
                    value: replay_model(entries)[k],
                    record_type: LogRecordType::NORMAL,
                },
            };
            if e.rec.record_type == LogRecordType::NORMAL && e.rec.key == k {
                assert(entries[entries.len() - 1] == want);
            } else {
                assert(replay_index(prefix).contains_key(k));
                let old_want = LogEntry {
                    pos: replay_index(prefix)[k],
                    rec: LogRecordView {
                        key: k,
                        value: replay_model(prefix)[k],
                        record_type: LogRecordType::NORMAL,
                    },
                };
                assert(prefix.contains(old_want));
                let i = choose|i: int| 0 <= i < prefix.len() && prefix[i] == old_want;
                assert(entries[i] == want);
            }
        }
    }
}

// ------------------------------------------------------------------
// The records of a list of data files
// ------------------------------------------------------------------

/// Every record of every file, in file order.
pub open spec fn files_entries<IO: IOManager>(files: Seq<DataFile<IO>>) -> Seq<LogEntry>
    decreases files.len(),
{
    if files.len() == 0 {
        Seq::empty()
    } else {
        files_entries(files.drop_last()) + scan_entries(
            files.last().contents(),
            files.last().file_id,
            0,
        )
    }
}

/// The records of a file list depend only on each file's contents and id.
pub proof fn lemma_files_entries_congruent<IO: IOManager>(
    a: Seq<DataFile<IO>>,
    b: Seq<DataFile<IO>>,
)
    requires
        a.len() == b.len(),
        forall|i: int|
            0 <= i < a.len() ==> (#[trigger] a[i]).contents() == b[i].contents() && a[i].file_id
                == b[i].file_id,
    ensures
        files_entries(a) == files_entries(b),
    decreases a.len(),
{
    if a.len() > 0 {
        assert forall|i: int|
            0 <= i < a.drop_last().len() implies (#[trigger] a.drop_last()[i]).contents()
            == b.drop_last()[i].contents() && a.drop_last()[i].file_id
            == b.drop_last()[i].file_id by {
            assert(a.drop_last()[i] == a[i]);
            assert(b.drop_last()[i] == b[i]);
        }
        lemma_files_entries_congruent(a.drop_last(), b.drop_last());
        assert(a.last().contents() == b.last().contents() && a.last().file_id == b.last().file_id);
    }
}

/// Every entry of a well-formed file list carries the id of one of the
/// files and decodes in that file at its recorded offset.
pub proof fn lemma_files_entry_located<IO: IOManager>(files: Seq<DataFile<IO>>, e: LogEntry)
    requires
        forall|i: int| 0 <= i < files.len() ==> (#[trigger] files[i]).wf(),
        files_entries(files).contains(e),
    ensures
        exists|i: int|
            0 <= i < files.len() && (#[trigger] files[i]).file_id == e.pos.file_id && entry_parses(
                files[i].contents(),
                e,
            ),
    decreases files.len(),
{
    let prefix = files.drop_last();
    let all = files_entries(files);
    let before = files_entries(prefix);
    let tail = scan_entries(files.last().contents(), files.last().file_id, 0);
    let idx = choose|idx: int| 0 <= idx < all.len() && all[idx] == e;
    if idx < before.len() {
        assert(before[idx] == e);
        assert(before.contains(e));
        lemma_files_entry_located(prefix, e);
        let i = choose|i: int|
            0 <= i < prefix.len() && (#[trigger] prefix[i]).file_id == e.pos.file_id
                && entry_parses(prefix[i].contents(), e);
        assert(files[i].file_id == e.pos.file_id && entry_parses(files[i].contents(), e));
    } else {
        let last = files.last();
        assert(tail[idx - before.len()] == e);
        assert(last.wf());
        lemma_scan_entries_parse(last.contents(), last.file_id, 0);
        let j = files.len() - 1;
        assert(files[j].file_id == e.pos.file_id && entry_parses(files[j].contents(), e));
    }
}

// ------------------------------------------------------------------
// The engine
// ------------------------------------------------------------------

/// A storage engine instance: one active data file receiving appends, the
/// older read-only data files, the in-memory index, and the configuration.
pub struct Engine<IO: IOManager> {
    pub options: Options,
    pub active_file: DataFile<IO>,
    pub older_files: Vec<DataFile<IO>>,
    pub index: BTree,
}

impl<IO: IOManager> Engine<IO> {
    /// All data files, older files first, the active file last.
    pub open spec fn files(&self) -> Seq<DataFile<IO>> {
        self.older_files@.push(self.active_file)
    }

    /// Every record of every data file, in file order: the log.
    pub open spec fn log(&self) -> Seq<LogEntry> {
        files_entries(self.files())
    }

    /// The key/value mapping the engine serves: the last-written value of
    /// every live key of the log.
    pub open spec fn model(&self) -> Map<Seq<u8>, Seq<u8>> {
        replay_model(self.log())
    }

    /// The mapping the in-memory index holds.
    pub open spec fn index_view(&self) -> Map<Seq<u8>, LogRecordPos> {
        self.index.entries()
    }

    pub open spec fn active_id(&self) -> u32 {
        self.active_file.file_id
    }

    pub open spec fn active_len(&self) -> int {
        self.active_file.contents().len() as int
    }

    /// File ids strictly ascend and end at the active file, and every
    /// file's write cursor sits at its length.
    pub open spec fn files_sorted(&self) -> bool {
        &&& forall|i: int, j: int|
            0 <= i < j < self.files().len() ==> (#[trigger] self.files()[i]).file_id < (
            #[trigger] self.files()[j]).file_id
        &&& forall|i: int| 0 <= i < self.files().len() ==> (#[trigger] self.files()[i]).wf()
    }

    /// Structural well-formedness: sorted well-formed files, and an active
    /// file that is a clean sequence of whole frames up to its end.
    pub open spec fn wf_files(&self) -> bool {
        &&& self.files_sorted()
        &&& scan_clean(self.active_file.contents(), 0)
        &&& scan_end(self.active_file.contents(), 0) == self.active_file.contents().len()
        &&& self.options.file_size > 0
        &&& self.index.wf()
    }

    /// Full well-formedness: additionally, the index is exactly the replay
    /// of the log. Every index entry then points at a `NORMAL` record that
    /// decodes to the key's last-written value — the on-disk log is the
    /// ground truth.
    pub open spec fn wf(&self) -> bool {
        &&& self.wf_files()
        &&& self.index.entries() == replay_index(self.log())
    }

    /// Positions the index holds decode, in the file they name, to a
    /// `NORMAL` record carrying the key and its current value.
    pub proof fn lemma_index_entry_decodes(self, k: Seq<u8>)
        requires
            self.wf(),
            self.index_view().contains_key(k),
        ensures
            self.model().contains_key(k),
            exists|i: int|
                0 <= i < self.files().len() && (#[trigger] self.files()[i]).file_id
                    == self.index_view()[k].file_id && entry_parses(
                    self.files()[i].contents(),
                    LogEntry {
                        pos: self.index_view()[k],
                        rec: LogRecordView {
                            key: k,
                            value: self.model()[k],
                            record_type: LogRecordType::NORMAL,
                        },
                    },
                ),
    {
        lemma_replay_entry_exists(self.log());
        let want = LogEntry {
            pos: self.index_view()[k],
            rec: LogRecordView {
                key: k,
                value: self.model()[k],
                record_type: LogRecordType::NORMAL,
            },
        };
        assert(self.log().contains(want));
        lemma_files_entry_located(self.files(), want);
    }
}

// ------------------------------------------------------------------
// Bootstrap replay
// ------------------------------------------------------------------

/// Replays one data file into the index: every `NORMAL` record inserts its
/// position, every `DELETE` tombstone removes its key. Returns the offset
/// at which the scan reached end-of-log.
fn replay_file<IO: IOManager>(index: &mut BTree, file: &DataFile<IO>) -> (r: Result<u64, Errors>)
    requires
        file.wf(),
        old(index).wf(),
    ensures
        final(index).wf(),
        (match r {
            Ok(end) => {
                &&& final(index).entries() == replay_index_from(
                    old(index).entries(),
                    scan_entries(file.contents(), file.file_id, 0),
                )
                &&& end as int == scan_end(file.contents(), 0)
                &&& scan_clean(file.contents(), 0)
            },
            Err(e) => {
                &&& (e == Errors::FailedToReadFromDataFile || e == Errors::InvalidRecordCrc || e
                    == Errors::IndexUpdateError)
                &&& (e == Errors::InvalidRecordCrc ==> !scan_clean(file.contents(), 0))
                &&& (e == Errors::IndexUpdateError ==> dangling_tombstone_from(
                    old(index).entries(),
                    scan_entries(file.contents(), file.file_id, 0),
                ))
            },
        }),
{
    let ghost c = file.contents();
    let ghost fid = file.file_id;
    let ghost mut processed: Seq<LogEntry> = Seq::empty();
    let mut offset: u64 = 0;
    loop
        invariant
            file.wf(),
            c == file.contents(),
            fid == file.file_id,
            index.wf(),
            0 <= offset as int <= c.len(),
            index.entries() == replay_index_from(old(index).entries(), processed),
            scan_entries(c, fid, 0) == processed + scan_entries(c, fid, offset as int),
            scan_clean(c, 0) == scan_clean(c, offset as int),
            scan_end(c, 0) == scan_end(c, offset as int),
        ensures
            index.wf(),
            index.entries() == replay_index_from(old(index).entries(), processed),
            scan_entries(c, fid, 0) == processed + scan_entries(c, fid, offset as int),
            scan_clean(c, 0) == scan_clean(c, offset as int),
            scan_end(c, 0) == scan_end(c, offset as int),
            parse_at(c, offset as int) is Eof,
        decreases c.len() - offset as int,
    {
        match file.read_log_record(offset) {
            Ok(rr) => {
                let ghost o0 = offset;
                let ghost processed0 = processed;
                let pos = LogRecordPos { file_id: file.get_file_id(), offset };
                let ghost entry = LogEntry { pos, rec: rr.record@ };
                let ok = match rr.record.record_type {
                    LogRecordType::NORMAL => index.put(rr.record.key, pos),
                    LogRecordType::DELETE => index.delete(rr.record.key),
                };
                if !ok {
                    proof {
                        let entries = scan_entries(c, fid, 0);
                        let n = processed.len() as int;
                        assert(entries[n] == entry);
                        assert(entries.take(n) =~= processed);
                        assert(entry.rec.record_type == LogRecordType::DELETE);
                        assert(!replay_index_from(old(index).entries(), entries.take(
                            n,
                        )).contains_key(entry.rec.key));
                    }
                    return Err(Errors::IndexUpdateError);
                }
                offset = offset + rr.size;
                proof {
                    assert(scan_entries(c, fid, o0 as int) == seq![entry] + scan_entries(
                        c,
                        fid,
                        offset as int,
                    ));
                    assert(scan_clean(c, o0 as int) == scan_clean(c, offset as int));
                    assert(scan_end(c, o0 as int) == scan_end(c, offset as int));
                    processed = processed + seq![entry];
                    assert(processed.drop_last() =~= processed0);
                    assert(processed.last() == entry);
                    assert(index.entries() == replay_index_from(old(index).entries(), processed));
                    assert(scan_entries(c, fid, 0) =~= processed + scan_entries(
                        c,
                        fid,
                        offset as int,
                    ));
                }
            },
            Err(e) => {
                match e {
                    Errors::ReadDataFileEOF => {
                        break;
                    },
                    _ => {
                        proof {
                            if e == Errors::InvalidRecordCrc {
                                assert(!scan_clean(c, offset as int));
                            }
                        }
                        return Err(e);
                    },
                }
            },
        }
    }
    proof {
        assert(scan_entries(c, fid, offset as int) =~= Seq::<LogEntry>::empty());
        assert(scan_entries(c, fid, 0) =~= processed);
        assert(scan_clean(c, offset as int));
        assert(scan_end(c, offset as int) == offset as int);
    }
    Ok(offset)
}

impl<IO: IOManager> Engine<IO> {
    /// Rebuilds the in-memory index by replaying every data file in
    /// file-id order, then resumes the active file's write cursor at the
    /// end of its last whole record, discarding a truncated trailing
    /// frame.
    pub fn load_index_from_data_files(&mut self) -> (r: Result<(), Errors>)
        requires
            old(self).files_sorted(),
            old(self).index.wf(),
            old(self).index.entries() == Map::<Seq<u8>, LogRecordPos>::empty(),
            old(self).options.file_size > 0,
        ensures
            final(self).options == old(self).options,
            (match r {
                Ok(()) => {
                    &&& final(self).wf()
                    &&& final(self).log() == old(self).log()
                    &&& final(self).active_id() == old(self).active_id()
                    &&& final(self).files().len() == old(self).files().len()
                    &&& (forall|i: int|
                        0 <= i < old(self).files().len() - 1 ==> #[trigger] final(self).files()[i]
                            == old(self).files()[i])
                    &&& final(self).active_file.contents() == old(
                        self,
                    ).active_file.contents().subrange(
                        0,
                        scan_end(old(self).active_file.contents(), 0),
                    )
                },
                Err(e) => {
                    &&& (e == Errors::FailedToReadFromDataFile || e == Errors::InvalidRecordCrc
                        || e == Errors::IndexUpdateError || e == Errors::FailedToWriteToDataFile)
                    &&& (e == Errors::InvalidRecordCrc ==> exists|i: int|
                        0 <= i < old(self).files().len() && !scan_clean(
                            (#[trigger] old(self).files()[i]).contents(),
                            0,
                        ))
                    &&& (e == Errors::IndexUpdateError ==> exists|i: int|
                        0 <= i < old(self).files().len() && dangling_tombstone_from(
                            replay_index(files_entries(old(self).files().take(i))),
                            scan_entries(
                                (#[trigger] old(self).files()[i]).contents(),
                                old(self).files()[i].file_id,
                                0,
                            ),
                        ))
                },
            }),
    {
        let mut i: usize = 0;
        while i < self.older_files.len()
            invariant
                0 <= i as int <= self.older_files@.len(),
                self.options == old(self).options,
                self.active_file == old(self).active_file,
                self.older_files@ == old(self).older_files@,
                old(self).files_sorted(),
                self.index.wf(),
                self.index.entries() == replay_index(
                    files_entries(self.older_files@.take(i as int)),
                ),
            decreases self.older_files@.len() - i as int,
        {
            proof {
                assert(old(self).files()[i as int] == old(self).older_files@[i as int]);
                assert(old(self).files()[i as int].wf());
                assert(self.older_files@[i as int].wf());
            }
            let ghost m_before = self.index.entries();
            match replay_file(&mut self.index, &self.older_files[i]) {
                Ok(_) => {},
                Err(e) => {
                    proof {
                        assert(old(self).files().take(i as int) =~= old(self).older_files@.take(
                            i as int,
                        ));
                        assert(m_before == replay_index(
                            files_entries(old(self).files().take(i as int)),
                        ));
                        assert(old(self).files()[i as int].contents() == self.older_files@[
                            i as int].contents());
                        assert(old(self).files()[i as int].file_id == self.older_files@[
                            i as int].file_id);
                    }
                    return Err(e);
                },
            }
            proof {
                let olders = self.older_files@;
                assert(olders.take(i + 1).drop_last() =~= olders.take(i as int));
                assert(olders.take(i + 1).last() == olders[i as int]);
                lemma_replay_index_concat(
                    Map::empty(),
                    files_entries(olders.take(i as int)),
                    scan_entries(olders[i as int].contents(), olders[i as int].file_id, 0),
                );
            }
            i = i + 1;
        }
        proof {
            assert(old(self).files()[old(self).files().len() - 1] == old(self).active_file);
            assert(old(self).files()[old(self).files().len() - 1].wf());
            assert(self.active_file.wf());
        }
        let ghost m_active = self.index.entries();
        let end = match replay_file(&mut self.index, &self.active_file) {
            Ok(end) => end,
            Err(e) => {
                proof {
                    let last = old(self).files().len() - 1;
                    assert(self.older_files@.take(self.older_files@.len() as int)
                        =~= self.older_files@);
                    assert(old(self).files().take(last) =~= old(self).older_files@);
                    assert(m_active == replay_index(files_entries(old(self).files().take(last))));
                    assert(old(self).files()[last].contents() == self.active_file.contents());
                    assert(old(self).files()[last].file_id == self.active_file.file_id);
                }
                return Err(e);
            },
        };
        proof {
            assert(self.older_files@.take(self.older_files@.len() as int) =~= self.older_files@);
            lemma_replay_index_concat(
                Map::empty(),
                files_entries(self.older_files@),
                scan_entries(self.active_file.contents(), self.active_file.file_id, 0),
            );
            assert(self.files().drop_last() =~= self.older_files@);
            assert(self.files().last() == self.active_file);
            assert(self.log() == files_entries(self.older_files@) + scan_entries(
                self.active_file.contents(),
                self.active_file.file_id,
                0,
            ));
            lemma_scan_end_bounds(self.active_file.contents(), 0);
        }
        let ghost c0 = self.active_file.contents();
        let ghost log0 = self.log();
        match self.active_file.set_write_offset(end) {
            Ok(()) => {},
            Err(e) => {
                return Err(e);
            },
        }
        proof {
            lemma_scan_take(c0, self.active_file.file_id, 0, end as int);
            assert(self.files().drop_last() =~= self.older_files@);
            assert(self.files().last() == self.active_file);
            assert(self.log() == files_entries(self.older_files@) + scan_entries(
                self.active_file.contents(),
                self.active_file.file_id,
                0,
            ));
            assert(self.log() == log0);
            assert(old(self).files().drop_last() =~= self.older_files@);
            assert(old(self).log() == log0);
            assert forall|a: int, b: int| 0 <= a < b < self.files().len() implies (
            #[trigger] self.files()[a]).file_id < (#[trigger] self.files()[b]).file_id by {
                assert(old(self).files()[a].file_id < old(self).files()[b].file_id);
                assert(self.files()[a].file_id == old(self).files()[a].file_id);
                assert(self.files()[b].file_id == old(self).files()[b].file_id);
            }
            assert forall|a: int| 0 <= a < self.files().len() implies (
            #[trigger] self.files()[a]).wf() by {
                if a < self.files().len() - 1 {
                    assert(self.files()[a] == old(self).files()[a]);
                    assert(old(self).files()[a].wf());
                }
            }
            assert forall|a: int|
                0 <= a < old(self).files().len() - 1 implies #[trigger] self.files()[a] == old(
                self,
            ).files()[a] by {
                assert(self.files()[a] == self.older_files@[a]);
                assert(old(self).files()[a] == old(self).older_files@[a]);
            }
        }
        Ok(())
    }

    /// Opens an engine over the data files found in a directory, handed in
    /// ascending file-id order — `data_file_ids` parses and orders a
    /// directory listing, and each id's file is opened and wrapped in a
    /// `DataFile`. An empty directory starts with a fresh file 0. The
    /// bootstrap replay then rebuilds the index from the log.
    pub fn open(opts: Options, files: Vec<DataFile<IO>>) -> (r: Result<Engine<IO>, Errors>)
        requires
            forall|i: int, j: int|
                0 <= i < j < files@.len() ==> (#[trigger] files@[i]).file_id < (
                #[trigger] files@[j]).file_id,
            forall|i: int| 0 <= i < files@.len() ==> (#[trigger] files@[i]).wf(),
            opts.index_type == IndexType::BTree,
        ensures
            (match r {
                Ok(e) => {
                    &&& opts.dir_path@.len() > 0 && opts.file_size > 0
                    &&& e.wf()
                    &&& e.options == opts
                    &&& e.index_view() == replay_index(files_entries(files@))
                    &&& e.model() == replay_model(files_entries(files@))
                    &&& (files@.len() > 0 ==> {
                        &&& e.active_id() == files@.last().file_id
                        &&& e.files().len() == files@.len()
                        &&& (forall|i: int|
                            0 <= i < files@.len() - 1 ==> #[trigger] e.files()[i] == files@[i])
                        &&& e.files().last().contents() == files@.last().contents().subrange(
                            0,
                            scan_end(files@.last().contents(), 0),
                        )
                    })
                    &&& (files@.len() == 0 ==> {
                        &&& e.active_id() == 0
                        &&& e.files().len() == 1
                        &&& e.files()[0].contents() == Seq::<u8>::empty()
                    })
                },
                Err(e) => e == Errors::DirPathIsEmpty || e == Errors::FileSizeTooSmall || e
                    == Errors::FailedToOpenDataFile || e == Errors::FailedToReadFromDataFile || e
                    == Errors::InvalidRecordCrc || e == Errors::IndexUpdateError || e
                    == Errors::FailedToWriteToDataFile,
            }),
            ((r matches Err(er) && er == Errors::DirPathIsEmpty) <==> opts.dir_path@.len() == 0),
            ((r matches Err(er) && er == Errors::FileSizeTooSmall) <==> (opts.dir_path@.len() > 0
                && opts.file_size == 0)),
    {
        match check_options(&opts) {
            Some(e) => {
                return Err(e);
            },
            None => {},
        }
        let ghost given = files@;
        let mut older_files = files;
        let active_file = match older_files.pop() {
            Some(f) => f,
            None => {
                match DataFile::create(INITIAL_FILE_ID, &opts.dir_path) {
                    Ok(f) => f,
                    Err(e) => {
                        return Err(e);
                    },
                }
            },
        };
        let index = create_indexer(opts.index_type);
        let mut engine = Engine { options: opts, active_file, older_files, index };
        proof {
            if given.len() > 0 {
                assert(engine.files() =~= given);
            } else {
                assert(engine.files() =~= seq![engine.active_file]);
                assert(engine.files().drop_last() =~= Seq::<DataFile<IO>>::empty());
                assert(files_entries(Seq::<DataFile<IO>>::empty()) == Seq::<LogEntry>::empty());
                assert(scan_entries(engine.active_file.contents(), engine.active_file.file_id, 0)
                    =~= Seq::<LogEntry>::empty());
                assert(engine.log() == files_entries(engine.files().drop_last()) + scan_entries(
                    engine.files().last().contents(),
                    engine.files().last().file_id,
                    0,
                ));
                assert(engine.log() =~= files_entries(given));
            }
            assert(engine.log() == files_entries(given));
        }
        let ghost pre = engine;
        match engine.load_index_from_data_files() {
            Ok(()) => {},
            Err(e) => {
                return Err(e);
            },
        }
        proof {
            lemma_replay_entry_exists(engine.log());
            assert(engine.files().last() == engine.active_file);
            assert(pre.files().last() == pre.active_file);
            if given.len() > 0 {
                assert forall|i2: int| 0 <= i2 < given.len() - 1 implies #[trigger] engine.files()[
                    i2] == given[i2] by {
                    assert(engine.files()[i2] == pre.files()[i2]);
                    assert(pre.files()[i2] == given[i2]);
                }
                assert(pre.active_file == given.last());
            } else {
                assert(scan_end(pre.active_file.contents(), 0) == 0);
                assert(engine.active_file.contents() == pre.active_file.contents().subrange(0, 0));
                assert(engine.active_file.contents() =~= Seq::<u8>::empty());
            }
        }
        Ok(engine)
    }

    /// All data file lengths stay at or below `bound`.
    pub open spec fn files_within(&self, bound: int) -> bool {
        forall|i: int|
            0 <= i < self.files().len() ==> (#[trigger] self.files()[i]).contents().len() <= bound
    }

    /// Appends one encoded record to the active file and publishes its
    /// position. If the record would not fit below `file_size`, the active
    /// file is first synced, retired into the older files, and a successor
    /// with the next file id becomes active — a record never straddles two
    /// files. A record whose frame exactly fills the remaining space is
    /// appended without rotation; one byte more triggers it.
    ///
    /// The configured per-write sync is deliberately not performed here:
    /// `put` and `delete` sync after their index update. Syncing inside
    /// the append would let a sync failure surface with the record on the
    /// log but never indexed, breaking the engine's guarantee that a
    /// record is persisted exactly when it is indexed; with the sync last,
    /// an error return leaves the log and the index moved together (the
    /// rotation sync here fails only before anything is appended, so on
    /// every error of this function the log is unchanged). A direct caller
    /// that needs per-write durability syncs the engine itself after
    /// updating the index.
    pub fn append_log_record(&mut self, logrecord: &LogRecord) -> (r: Result<LogRecordPos, Errors>)
        requires
            old(self).wf_files(),
            record_valid(logrecord@),
            old(self).active_id() < u32::MAX,
        ensures
            final(self).wf_files(),
            final(self).options == old(self).options,
            final(self).index == old(self).index,
            (match r {
                Ok(pos) => {
                    &&& final(self).log() == old(self).log() + seq![
                        LogEntry { pos, rec: logrecord@ },
                    ]
                    &&& pos.file_id == final(self).active_id()
                    &&& (old(self).active_len() + encoded_len(logrecord@) <= old(
                        self,
                    ).options.file_size as int ==> pos.file_id == old(self).active_id()
                        && pos.offset as int == old(self).active_len())
                    &&& (old(self).active_len() + encoded_len(logrecord@) > old(
                        self,
                    ).options.file_size as int ==> pos.file_id == old(self).active_id() + 1
                        && pos.offset == 0)
                    &&& (forall|b: int|
                        old(self).files_within(b) && old(self).options.file_size as int
                            + encoded_len(logrecord@) <= b
                            ==> #[trigger] final(self).files_within(b))
                },
                Err(e) => {
                    &&& final(self).log() == old(self).log()
                    &&& (e == Errors::FailedToWriteToDataFile || e == Errors::FailedToSyncDataFile
                        || e == Errors::FailedToOpenDataFile)
                },
            }),
    {
        let encoded = logrecord.encode();
        let log_size = encoded.len() as u64;
        let write_offset = self.active_file.get_write_offset();
        if (write_offset as u128) + (log_size as u128) > (self.options.file_size as u128) {
            match self.active_file.sync() {
                Ok(()) => {},
                Err(e) => {
                    return Err(e);
                },
            }
            let cur_file_id = self.active_file.get_file_id();
            let mut retired = match DataFile::create(cur_file_id + 1, &self.options.dir_path) {
                Ok(f) => f,
                Err(e) => {
                    return Err(e);
                },
            };
            core::mem::swap(&mut self.active_file, &mut retired);
            let ghost files0 = old(self).files();
            self.older_files.push(retired);
            proof {
                assert(self.files().drop_last() =~= files0);
                assert(self.files().last() == self.active_file);
                assert(scan_entries(self.active_file.contents(), self.active_file.file_id, 0)
                    =~= Seq::<LogEntry>::empty());
                assert(self.log() =~= old(self).log());
                assert forall|a: int, b: int| 0 <= a < b < self.files().len() implies (
                #[trigger] self.files()[a]).file_id < (#[trigger] self.files()[b]).file_id by {
                    if b < self.files().len() - 1 {
                        assert(self.files()[a] == files0[a]);
                        assert(self.files()[b] == files0[b]);
                    } else {
                        if a < self.files().len() - 1 {
                            assert(self.files()[a] == files0[a]);
                            assert(files0[a].file_id <= files0[files0.len() - 1].file_id) by {
                                if a < files0.len() - 1 {
                                    assert(files0[a].file_id < files0[files0.len() - 1].file_id);
                                }
                            }
                        }
                    }
                }
                assert forall|a: int| 0 <= a < self.files().len() implies (
                #[trigger] self.files()[a]).wf() by {
                    if a < self.files().len() - 1 {
                        assert(self.files()[a] == files0[a]);
                    }
                }
            }
        }
        let ghost mid = *self;
        let write_offset = self.active_file.get_write_offset();
        proof {
            crate::data::log_record::lemma_encoded_len(logrecord@);
            assert(mid.active_len() + encoded@.len() <= u64::MAX);
        }
        let ghost c0 = self.active_file.contents();
        match self.active_file.write(&encoded) {
            Ok(_) => {},
            Err(e) => {
                proof {
                    let fs = self.files();
                    let ms = mid.files();
                    assert(fs.drop_last() =~= ms.drop_last());
                    assert forall|i2: int|
                        0 <= i2 < fs.len() implies (#[trigger] fs[i2]).contents() == ms[
                        i2].contents() && fs[i2].file_id == ms[i2].file_id by {
                        if i2 < fs.len() - 1 {
                            assert(fs[i2] == fs.drop_last()[i2]);
                            assert(ms[i2] == ms.drop_last()[i2]);
                        } else {
                            assert(fs[i2] == self.active_file);
                            assert(ms[i2] == mid.active_file);
                        }
                    }
                    lemma_files_entries_congruent(fs, ms);
                    assert(self.log() == mid.log());
                    assert forall|a2: int, b2: int| 0 <= a2 < b2 < fs.len() implies (
                    #[trigger] fs[a2]).file_id < (#[trigger] fs[b2]).file_id by {
                        assert(fs[a2].contents() == ms[a2].contents() && fs[a2].file_id == ms[
                        a2].file_id);
                        assert(fs[b2].contents() == ms[b2].contents() && fs[b2].file_id == ms[
                        b2].file_id);
                        assert(ms[a2].file_id < ms[b2].file_id);
                    }
                    assert forall|a2: int| 0 <= a2 < fs.len() implies (#[trigger] fs[a2]).wf() by {
                        if a2 < fs.len() - 1 {
                            assert(fs[a2] == ms[a2]);
                            assert(ms[a2].wf());
                        }
                    }
                }
                return Err(e);
            },
        }
        let pos = LogRecordPos { file_id: self.active_file.get_file_id(), offset: write_offset };
        proof {
            lemma_scan_append(c0, logrecord@, self.active_file.file_id, 0);
            assert(self.files().drop_last() =~= mid.files().drop_last());
            assert(mid.files().last() == mid.active_file);
            assert(self.files().last() == self.active_file);
            assert(self.log() == files_entries(self.files().drop_last()) + scan_entries(
                self.active_file.contents(),
                self.active_file.file_id,
                0,
            ));
            assert(mid.log() == files_entries(mid.files().drop_last()) + scan_entries(
                mid.active_file.contents(),
                mid.active_file.file_id,
                0,
            ));
            assert(self.log() =~= mid.log() + seq![LogEntry { pos, rec: logrecord@ }]);
            assert(self.log() == old(self).log() + seq![LogEntry { pos, rec: logrecord@ }]);
            assert forall|a: int, b: int| 0 <= a < b < self.files().len() implies (
            #[trigger] self.files()[a]).file_id < (#[trigger] self.files()[b]).file_id by {
                assert(mid.files()[a].file_id < mid.files()[b].file_id);
                if b < self.files().len() - 1 {
                    assert(self.files()[a] == mid.files()[a]);
                    assert(self.files()[b] == mid.files()[b]);
                } else {
                    if a < self.files().len() - 1 {
                        assert(self.files()[a] == mid.files()[a]);
                    }
                }
            }
            assert forall|a: int| 0 <= a < self.files().len() implies (
            #[trigger] self.files()[a]).wf() by {
                assert(mid.files()[a].wf());
                if a < self.files().len() - 1 {
                    assert(self.files()[a] == mid.files()[a]);
                }
            }
            assert forall|b: int|
                old(self).files_within(b) && old(self).options.file_size as int + encoded_len(
                    logrecord@,
                ) <= b implies #[trigger] self.files_within(b) by {
                assert forall|a: int| 0 <= a < self.files().len() implies (
                #[trigger] self.files()[a]).contents().len() <= b by {
                    if a < old(self).files().len() {
                        assert(old(self).files()[a].contents().len() <= b);
                        if a < self.files().len() - 1 {
                            assert(self.files()[a] == mid.files()[a]);
                        }
                    } else {
                        if a < self.files().len() - 1 {
                            assert(self.files()[a] == mid.files()[a]);
                        }
                    }
                }
            }
        }
        Ok(pos)
    }

    /// Stores `key`/`value`: appends exactly one `NORMAL` record to the
    /// log, then points the index at its position. The key must not be
    /// empty. When `sync` is configured, the active file is synced after
    /// the index update, before the call returns: on a sync failure the
    /// engine is still observably consistent — the record is on the log
    /// and indexed, or neither. The frame's length fields are 32 bits
    /// wide, so key and value must each fit a u32, and file ids are 32
    /// bits, so the active file's id must leave room for one rotation.
    pub fn put(&mut self, key: bytes::Bytes, value: bytes::Bytes) -> (r: Result<(), Errors>)
        requires
            old(self).wf(),
            bytes_contents(key).len() <= u32::MAX,
            bytes_contents(value).len() <= u32::MAX,
            old(self).active_id() < u32::MAX,
        ensures
            final(self).wf(),
            final(self).options == old(self).options,
            ((r matches Err(e) && e == Errors::KeyIsEmpty) <==> bytes_contents(key).len() == 0),
            (match r {
                Ok(()) => {
                    &&& final(self).model() == old(self).model().insert(
                        bytes_contents(key),
                        bytes_contents(value),
                    )
                    &&& (exists|pos: LogRecordPos|
                        #[trigger] log_appended(
                            old(self).log(),
                            final(self).log(),
                            pos,
                            (LogRecordView {
                                key: bytes_contents(key),
                                value: bytes_contents(value),
                                record_type: LogRecordType::NORMAL,
                            }),
                        ) && final(self).index_view().contains_key(bytes_contents(key))
                            && final(self).index_view()[bytes_contents(key)] == pos)
                },
                Err(e) => {
                    &&& (e == Errors::KeyIsEmpty || e == Errors::FailedToWriteToDataFile || e
                        == Errors::FailedToSyncDataFile || e == Errors::FailedToOpenDataFile)
                    &&& (e != Errors::FailedToSyncDataFile ==> final(self).model() == old(
                        self,
                    ).model() && final(self).log() == old(self).log())
                    &&& (e == Errors::FailedToSyncDataFile ==> ((final(self).model() == old(
                        self,
                    ).model() && final(self).log() == old(self).log()) || (final(self).model()
                        == old(self).model().insert(bytes_contents(key), bytes_contents(value))
                        && exists|pos: LogRecordPos|
                        #[trigger] log_appended(
                            old(self).log(),
                            final(self).log(),
                            pos,
                            (LogRecordView {
                                key: bytes_contents(key),
                                value: bytes_contents(value),
                                record_type: LogRecordType::NORMAL,
                            }),
                        ))))
                },
            }),
    {
        let key_vec = bytes_to_vec(&key);
        if key_vec.len() == 0 {
            return Err(Errors::KeyIsEmpty);
        }
        let value_vec = bytes_to_vec(&value);
        let logrecord = LogRecord {
            key: key_vec,
            value: value_vec,
            record_type: LogRecordType::NORMAL,
        };
        let log_record_pos = match self.append_log_record(&logrecord) {
            Ok(p) => p,
            Err(e) => {
                return Err(e);
            },
        };
        let ok = self.index.put(bytes_to_vec(&key), log_record_pos);
        if !ok {
            return Err(Errors::IndexUpdateError);
        }
        proof {
            let entry = LogEntry { pos: log_record_pos, rec: logrecord@ };
            assert((old(self).log() + seq![entry]).drop_last() =~= old(self).log());
            assert((old(self).log() + seq![entry]).last() == entry);
            assert(log_appended(
                old(self).log(),
                self.log(),
                log_record_pos,
                (LogRecordView {
                    key: bytes_contents(key),
                    value: bytes_contents(value),
                    record_type: LogRecordType::NORMAL,
                }),
            ));
        }
        if self.options.sync {
            match self.active_file.sync() {
                Ok(()) => {},
                Err(e) => {
                    return Err(e);
                },
            }
        }
        Ok(())
    }

    /// Removes `key`: for a live key, appends exactly one `DELETE`
    /// tombstone to the log and drops the key from the index. Deleting a
    /// key that is not live succeeds and changes nothing — the only
    /// fallible work on that path is the append, and there is none, so
    /// success is promised. The key must not be empty, must fit the
    /// frame's 32-bit length field, and the active file's id must leave
    /// room for one rotation. When `sync` is configured, the active file
    /// is synced after the index update, as in `put`.
    pub fn delete(&mut self, key: bytes::Bytes) -> (r: Result<(), Errors>)
        requires
            old(self).wf(),
            bytes_contents(key).len() <= u32::MAX,
            old(self).active_id() < u32::MAX,
        ensures
            final(self).wf(),
            final(self).options == old(self).options,
            ((r matches Err(e) && e == Errors::KeyIsEmpty) <==> bytes_contents(key).len() == 0),
            (bytes_contents(key).len() > 0 && !old(self).model().contains_key(bytes_contents(key))
                ==> r is Ok && final(self).log() == old(self).log()),
            (match r {
                Ok(()) => {
                    &&& final(self).model() == old(self).model().remove(bytes_contents(key))
                    &&& !final(self).index_view().contains_key(bytes_contents(key))
                    &&& (old(self).model().contains_key(bytes_contents(key)) ==> exists|
                        pos: LogRecordPos,
                    |
                        #[trigger] log_appended(
                            old(self).log(),
                            final(self).log(),
                            pos,
                            (LogRecordView {
                                key: bytes_contents(key),
                                value: Seq::<u8>::empty(),
                                record_type: LogRecordType::DELETE,
                            }),
                        ))
                    &&& (!old(self).model().contains_key(bytes_contents(key))
                        ==> final(self).log() == old(self).log())
                },
                Err(e) => {
                    &&& (e == Errors::KeyIsEmpty || e == Errors::FailedToWriteToDataFile || e
                        == Errors::FailedToSyncDataFile || e == Errors::FailedToOpenDataFile)
                    &&& (e != Errors::FailedToSyncDataFile ==> final(self).model() == old(
                        self,
                    ).model() && final(self).log() == old(self).log())
                    &&& (e == Errors::FailedToSyncDataFile ==> ((final(self).model() == old(
                        self,
                    ).model() && final(self).log() == old(self).log()) || (final(self).model()
                        == old(self).model().remove(bytes_contents(key)) && exists|
                        pos: LogRecordPos,
                    |
                        #[trigger] log_appended(
                            old(self).log(),
                            final(self).log(),
                            pos,
                            (LogRecordView {
                                key: bytes_contents(key),
                                value: Seq::<u8>::empty(),
                                record_type: LogRecordType::DELETE,
                            }),
                        ))))
                },
            }),
    {
        let key_vec = bytes_to_vec(&key);
        if key_vec.len() == 0 {
            return Err(Errors::KeyIsEmpty);
        }
        proof {
            lemma_replay_entry_exists(old(self).log());
        }
        let log_record_pos = self.index.get(key_vec);
        if log_record_pos.is_none() {
            proof {
                assert(old(self).model().remove(bytes_contents(key)) =~= old(self).model());
            }
            return Ok(());
        }
        let logrecord = LogRecord {
            key: bytes_to_vec(&key),
            value: Vec::new(),
            record_type: LogRecordType::DELETE,
        };
        let log_record_pos = match self.append_log_record(&logrecord) {
            Ok(p) => p,
            Err(e) => {
                return Err(e);
            },
        };
        let ok = self.index.delete(bytes_to_vec(&key));
        if !ok {
            return Err(Errors::IndexUpdateError);
        }
        proof {
            let entry = LogEntry { pos: log_record_pos, rec: logrecord@ };
            assert((old(self).log() + seq![entry]).drop_last() =~= old(self).log());
            assert((old(self).log() + seq![entry]).last() == entry);
            assert(log_appended(
                old(self).log(),
                self.log(),
                log_record_pos,
                (LogRecordView {
                    key: bytes_contents(key),
                    value: Seq::<u8>::empty(),
                    record_type: LogRecordType::DELETE,
                }),
            ));
        }
        if self.options.sync {
            match self.active_file.sync() {
                Ok(()) => {},
                Err(e) => {
                    return Err(e);
                },
            }
        }
        Ok(())
    }

    /// The value last written for `key`, read back from the log at the
    /// position the index holds. A missing key — or one whose last record
    /// is a tombstone — is `RecordNotFound`; the key must not be empty.
    pub fn get(&self, key: bytes::Bytes) -> (r: Result<bytes::Bytes, Errors>)
        requires
            self.wf(),
        ensures
            ((r matches Err(e) && e == Errors::KeyIsEmpty) <==> bytes_contents(key).len() == 0),
            ((r matches Err(e) && e == Errors::RecordNotFound) <==> (bytes_contents(key).len() > 0
                && !self.model().contains_key(bytes_contents(key)))),
            (match r {
                Ok(v) => self.model().contains_key(bytes_contents(key)) && bytes_contents(v)
                    == self.model()[bytes_contents(key)],
                Err(e) => e == Errors::KeyIsEmpty || e == Errors::RecordNotFound || e
                    == Errors::FailedToReadFromDataFile,
            }),
    {
        let ghost k = bytes_contents(key);
        let key_vec = bytes_to_vec(&key);
        if key_vec.len() == 0 {
            return Err(Errors::KeyIsEmpty);
        }
        proof {
            lemma_replay_entry_exists(self.log());
        }
        let pos = match self.index.get(key_vec) {
            Some(p) => p,
            None => {
                return Err(Errors::RecordNotFound);
            },
        };
        proof {
            self.lemma_index_entry_decodes(k);
        }
        let ghost want = LogEntry {
            pos,
            rec: LogRecordView {
                key: k,
                value: self.model()[k],
                record_type: LogRecordType::NORMAL,
            },
        };
        let logrecord = if self.active_file.get_file_id() == pos.file_id {
            proof {
                let i = choose|i: int|
                    0 <= i < self.files().len() && (#[trigger] self.files()[i]).file_id
                        == pos.file_id && entry_parses(self.files()[i].contents(), want);
                if i < self.files().len() - 1 {
                    assert(self.files()[i].file_id < self.files()[self.files().len()
                        - 1].file_id);
                }
                assert(self.files()[self.files().len() - 1] == self.active_file);
                assert(entry_parses(self.active_file.contents(), want));
            }
            match self.active_file.read_log_record(pos.offset) {
                Ok(rr) => rr,
                Err(e) => {
                    return Err(e);
                },
            }
        } else {
            let mut found: Option<usize> = None;
            let mut j: usize = 0;
            while j < self.older_files.len()
                invariant
                    0 <= j as int <= self.older_files@.len(),
                    (match found {
                        Some(fj) => fj < self.older_files@.len() && self.older_files@[
                            fj as int].file_id == pos.file_id,
                        None => forall|t: int|
                            0 <= t < j as int ==> (#[trigger] self.older_files@[t]).file_id
                                != pos.file_id,
                    }),
                decreases self.older_files@.len() - j as int,
            {
                if self.older_files[j].get_file_id() == pos.file_id {
                    found = Some(j);
                }
                j = j + 1;
            }
            proof {
                let i = choose|i: int|
                    0 <= i < self.files().len() && (#[trigger] self.files()[i]).file_id
                        == pos.file_id && entry_parses(self.files()[i].contents(), want);
                assert(self.files()[self.files().len() - 1] == self.active_file);
                assert(i < self.files().len() - 1);
                assert(self.files()[i] == self.older_files@[i]);
                if found is None {
                    assert(self.older_files@[i].file_id != pos.file_id);
                }
            }
            let fj = match found {
                Some(fj) => fj,
                None => {
                    return Err(Errors::DataFileNotFound);
                },
            };
            proof {
                let i = choose|i: int|
                    0 <= i < self.files().len() && (#[trigger] self.files()[i]).file_id
                        == pos.file_id && entry_parses(self.files()[i].contents(), want);
                assert(i < self.files().len() - 1);
                assert(self.files()[i] == self.older_files@[i]);
                if i != fj as int {
                    assert(self.files()[fj as int] == self.older_files@[fj as int]);
                    assert(self.files()[i].file_id != self.files()[fj as int].file_id);
                }
                assert(entry_parses(self.older_files@[fj as int].contents(), want));
            }
            match self.older_files[fj].read_log_record(pos.offset) {
                Ok(rr) => rr,
                Err(e) => {
                    return Err(e);
                },
            }
        };
        if logrecord.record.record_type == LogRecordType::DELETE {
            return Err(Errors::RecordNotFound);
        }
        Ok(bytes_from_vec(logrecord.record.value))
    }

    /// The id of the file currently receiving appends.
    pub fn active_file_id(&self) -> (r: u32)
        ensures
            r == self.active_id(),
    {
        self.active_file.get_file_id()
    }

    /// Hands the engine's data files back, older files first and the
    /// active file last — the order `open` expects them in again.
    pub fn close(self) -> (r: Vec<DataFile<IO>>)
        ensures
            r@ == self.files(),
    {
        let Engine { options: _, active_file, older_files: mut files, index: _ } = self;
        files.push(active_file);
        files
    }
}

// ------------------------------------------------------------------
// Laws of the engine's model
// ------------------------------------------------------------------
//
// `put`, `get` and `delete` speak about `Engine::model`, and `open` and
// `close` about the replay of a file list. The lemmas here state the
// round-trip and idempotence laws that those contracts compose to.

/// After `put(k, v)`, `get(k)` returns `v`: a put makes the model hold `v`
/// at `k`, and a read of a held key returns the held value.
pub proof fn lemma_put_then_get(m: Map<Seq<u8>, Seq<u8>>, k: Seq<u8>, v: Seq<u8>)
    ensures
        m.insert(k, v).contains_key(k),
        m.insert(k, v)[k] == v,
{
}

/// The model after a sequence of `put` operations, applied in order.
pub open spec fn puts_model(
    m: Map<Seq<u8>, Seq<u8>>,
    ops: Seq<(Seq<u8>, Seq<u8>)>,
) -> Map<Seq<u8>, Seq<u8>>
    decreases ops.len(),
{
    if ops.len() == 0 {
        m
    } else {
        puts_model(m, ops.drop_last()).insert(ops.last().0, ops.last().1)
    }
}

/// For any sequence of `put` operations, every key reads back as the value
/// it was last written with: if no later operation writes `ops[i]`'s key,
/// the model maps that key to `ops[i]`'s value.
pub proof fn lemma_last_put_wins(m: Map<Seq<u8>, Seq<u8>>, ops: Seq<(Seq<u8>, Seq<u8>)>, i: int)
    requires
        0 <= i < ops.len(),
        forall|j: int| i < j < ops.len() ==> (#[trigger] ops[j]).0 != ops[i].0,
    ensures
        puts_model(m, ops).contains_key(ops[i].0),
        puts_model(m, ops)[ops[i].0] == ops[i].1,
    decreases ops.len(),
{
    if i < ops.len() - 1 {
        assert forall|j: int| i < j < ops.drop_last().len() implies (
        #[trigger] ops.drop_last()[j]).0 != ops.drop_last()[i].0 by {
            assert(ops.drop_last()[j] == ops[j]);
        }
        lemma_last_put_wins(m, ops.drop_last(), i);
        assert(ops[ops.len() - 1].0 != ops[i].0);
    }
}

/// After `put(k, v1); put(k, v2)`, `get(k)` returns `v2`: the later write
/// wins, whatever was written before.
pub proof fn lemma_put_overwrites(m: Map<Seq<u8>, Seq<u8>>, k: Seq<u8>, v1: Seq<u8>, v2: Seq<u8>)
    ensures
        m.insert(k, v1).insert(k, v2) == m.insert(k, v2),
        m.insert(k, v1).insert(k, v2)[k] == v2,
{
    assert(m.insert(k, v1).insert(k, v2) =~= m.insert(k, v2));
}

/// After `delete(k)`, `get(k)` finds nothing — until the next `put(k, _)`
/// makes the key live again.
pub proof fn lemma_delete_then_get(m: Map<Seq<u8>, Seq<u8>>, k: Seq<u8>, v: Seq<u8>)
    ensures
        !m.remove(k).contains_key(k),
        m.remove(k).insert(k, v).contains_key(k),
        m.remove(k).insert(k, v)[k] == v,
{
}

/// `delete(k); delete(k)` is observationally identical to `delete(k)`:
/// removing an absent key changes nothing.
pub proof fn lemma_delete_idempotent(m: Map<Seq<u8>, Seq<u8>>, k: Seq<u8>)
    ensures
        m.remove(k).remove(k) == m.remove(k),
{
    assert(m.remove(k).remove(k) =~= m.remove(k));
}

/// Closing and reopening rebuilds the very same state: `close` hands back
/// the engine's files, `open` over them returns an engine whose index is
/// `replay_index` of their records and whose model is `replay_model` of
/// them — and for a well-formed engine those replays are exactly the index
/// and the model it already had. The index content of an open-close-open
/// cycle with no writes in between is identical, and every live key reads
/// back its last-written value after a reopen.
pub proof fn lemma_reopen_rebuilds_state<IO: IOManager>(e: Engine<IO>)
    requires
        e.wf(),
    ensures
        replay_index(files_entries(e.files())) == e.index_view(),
        replay_model(files_entries(e.files())) == e.model(),
{
}

// ------------------------------------------------------------------
// Directory listings
// ------------------------------------------------------------------

/// The suffix a data file name carries: the bytes of `.data`.
pub open spec fn data_suffix() -> Seq<u8> {
    seq![46u8, 100u8, 97u8, 116u8, 97u8]
}

pub open spec fn has_data_suffix(s: Seq<u8>) -> bool {
    s.len() >= 5 && s.subrange(s.len() - 5, s.len() as int) == data_suffix()
}

/// The name with its `.data` suffix cut off.
pub open spec fn name_stem(s: Seq<u8>) -> Seq<u8> {
    s.subrange(0, s.len() - 5)
}

pub open spec fn is_digit_byte(b: u8) -> bool {
    48 <= b <= 57
}

pub open spec fn all_digits(s: Seq<u8>) -> bool {
    forall|i: int| 0 <= i < s.len() ==> is_digit_byte(#[trigger] s[i])
}

/// The value of decimal digit bytes, most significant first.
pub open spec fn digits_value(s: Seq<u8>) -> int
    decreases s.len(),
{
    if s.len() == 0 {
        0
    } else {
        digits_value(s.drop_last()) * 10 + (s.last() - 48)
    }
}

/// A name a data file may carry: decimal digits, then `.data`, the value
/// fitting a u32.
pub open spec fn valid_data_file_name(s: Seq<u8>) -> bool {
    &&& has_data_suffix(s)
    &&& name_stem(s).len() > 0
    &&& all_digits(name_stem(s))
    &&& digits_value(name_stem(s)) <= u32::MAX
}

/// The ids of the well-formed data file names of a listing, in listing
/// order.
pub open spec fn parsed_ids(names: Seq<Seq<u8>>) -> Seq<u32>
    decreases names.len(),
{
    if names.len() == 0 {
        Seq::empty()
    } else {
        let rest = parsed_ids(names.drop_last());
        if valid_data_file_name(names.last()) {
            rest.push(digits_value(name_stem(names.last())) as u32)
        } else {
            rest
        }
    }
}

/// Every `.data` name of the listing is well-formed.
pub open spec fn names_ok(names: Seq<Seq<u8>>) -> bool {
    forall|i: int|
        0 <= i < names.len() ==> (has_data_suffix(#[trigger] names[i])
            ==> valid_data_file_name(names[i]))
}

pub open spec fn ids_sorted(s: Seq<u32>) -> bool {
    forall|i: int, j: int| 0 <= i <= j < s.len() ==> s[i] <= s[j]
}

proof fn lemma_digits_nonneg(s: Seq<u8>)
    requires
        all_digits(s),
    ensures
        digits_value(s) >= 0,
    decreases s.len(),
{
    if s.len() > 0 {
        assert forall|i: int| 0 <= i < s.drop_last().len() implies is_digit_byte(
            #[trigger] s.drop_last()[i],
        ) by {
            assert(s.drop_last()[i] == s[i]);
        }
        lemma_digits_nonneg(s.drop_last());
    }
}

proof fn lemma_digits_prefix_bound(s: Seq<u8>, i: int)
    requires
        all_digits(s),
        0 <= i <= s.len(),
    ensures
        digits_value(s.take(i)) <= digits_value(s),
    decreases s.len() - i,
{
    if i < s.len() {
        assert(s.take(i + 1).drop_last() =~= s.take(i));
        assert(s.take(i + 1).last() == s[i]);
        assert forall|t: int| 0 <= t < s.take(i).len() implies is_digit_byte(
            #[trigger] s.take(i)[t],
        ) by {
            assert(s.take(i)[t] == s[t]);
        }
        lemma_digits_nonneg(s.take(i));
        assert(digits_value(s.take(i + 1)) >= digits_value(s.take(i)));
        lemma_digits_prefix_bound(s, i + 1);
    } else {
        assert(s.take(i) =~= s);
    }
}

/// Parses one directory entry name: `Ok(None)` for a name that is no data
/// file, the id for a well-formed data file name, and
/// `DataDirectoryInvalid` for a `.data` name whose stem is not a plain
/// u32.
fn parse_data_file_name(name: &Vec<u8>) -> (r: Result<Option<u32>, Errors>)
    ensures
        (match r {
            Ok(id_opt) => match id_opt {
                None => !has_data_suffix(name@),
                Some(id) => valid_data_file_name(name@) && id as int == digits_value(
                    name_stem(name@),
                ),
            },
            Err(e) => e == Errors::DataDirectoryInvalid && has_data_suffix(name@)
                && !valid_data_file_name(name@),
        }),
{
    let n = name.len();
    if n < 5 {
        return Ok(None);
    }
    if !(name[n - 5] == 46 && name[n - 4] == 100 && name[n - 3] == 97 && name[n - 2] == 116
        && name[n - 1] == 97) {
        proof {
            if has_data_suffix(name@) {
                let sub = name@.subrange(n - 5, n as int);
                assert(sub[0] == name@[n - 5] && sub[1] == name@[n - 4] && sub[2] == name@[n - 3]
                    && sub[3] == name@[n - 2] && sub[4] == name@[n - 1]);
                assert(data_suffix()[0] == 46 && data_suffix()[1] == 100 && data_suffix()[2] == 97
                    && data_suffix()[3] == 116 && data_suffix()[4] == 97);
            }
        }
        return Ok(None);
    }
    proof {
        assert(name@.subrange(n - 5, n as int) =~= data_suffix());
    }
    let stem_len = n - 5;
    if stem_len == 0 {
        return Err(Errors::DataDirectoryInvalid);
    }
    let ghost stem = name_stem(name@);
    proof {
        assert(stem.len() == stem_len);
        assert forall|t: int| 0 <= t < stem.len() implies stem[t] == name@[t] by {}
    }
    let mut v: u64 = 0;
    let mut i: usize = 0;
    while i < stem_len
        invariant
            0 <= i <= stem_len,
            stem_len == name@.len() - 5,
            n == name@.len(),
            has_data_suffix(name@),
            stem == name_stem(name@),
            stem.len() == stem_len,
            forall|t: int| 0 <= t < stem.len() ==> #[trigger] stem[t] == name@[t],
            all_digits(stem.take(i as int)),
            v as int == digits_value(stem.take(i as int)),
            v <= u32::MAX,
        decreases stem_len - i,
    {
        let b = name[i];
        if !(48 <= b && b <= 57) {
            proof {
                assert(stem[i as int] == b);
                assert(!is_digit_byte(stem[i as int]));
            }
            return Err(Errors::DataDirectoryInvalid);
        }
        let v2: u64 = v * 10 + (b - 48) as u64;
        proof {
            assert(stem.take(i + 1).drop_last() =~= stem.take(i as int));
            assert(stem.take(i + 1).last() == stem[i as int]);
            assert forall|t: int| 0 <= t < stem.take(i + 1).len() implies is_digit_byte(
                #[trigger] stem.take(i + 1)[t],
            ) by {
                assert(stem.take(i + 1)[t] == stem[t]);
            }
        }
        if v2 > u32::MAX as u64 {
            proof {
                if all_digits(stem) && digits_value(stem) <= u32::MAX {
                    lemma_digits_prefix_bound(stem, i + 1);
                }
            }
            return Err(Errors::DataDirectoryInvalid);
        }
        v = v2;
        i = i + 1;
    }
    proof {
        assert(stem.take(stem_len as int) =~= stem);
    }
    Ok(Some(v as u32))
}

proof fn lemma_to_multiset_insert(s: Seq<u32>, j: int, x: u32)
    requires
        0 <= j <= s.len(),
    ensures
        s.insert(j, x).to_multiset() == s.to_multiset().insert(x),
{
    let t = s.insert(j, x);
    t.to_multiset_ensures();
    s.to_multiset_ensures();
    assert(t.remove(j) =~= s);
    assert(t[j] == x);
    assert(s.to_multiset() == t.to_multiset().remove(x));
    assert(t.contains(x));
    assert(t.to_multiset().count(x) > 0);
    assert(t.to_multiset() =~= s.to_multiset().insert(x));
}

/// Inserts `id` into a vector kept in ascending order.
fn insert_sorted(ids: &mut Vec<u32>, id: u32)
    requires
        ids_sorted(old(ids)@),
    ensures
        ids_sorted(final(ids)@),
        final(ids)@.to_multiset() == old(ids)@.to_multiset().insert(id),
{
    let mut j: usize = 0;
    while j < ids.len() && ids[j] <= id
        invariant
            0 <= j as int <= ids@.len(),
            ids@ == old(ids)@,
            forall|t: int| 0 <= t < j as int ==> ids@[t] <= id,
        decreases ids@.len() - j as int,
    {
        j = j + 1;
    }
    let ghost s0 = ids@;
    proof {
        lemma_to_multiset_insert(s0, j as int, id);
    }
    ids.insert(j, id);
    proof {
        assert forall|a: int, b: int| 0 <= a <= b < ids@.len() implies ids@[a] <= ids@[b] by {
            let ja = j as int;
            if a < ja {
                assert(ids@[a] == s0[a]);
            } else if a == ja {
                assert(ids@[a] == id);
            } else {
                assert(ids@[a] == s0[a - 1]);
            }
            if b < ja {
                assert(ids@[b] == s0[b]);
            } else if b == ja {
                assert(ids@[b] == id);
            } else {
                assert(ids@[b] == s0[b - 1]);
            }
        }
    }
}

/// Collects and orders the file ids of a directory listing: every name
/// `{id}.data` contributes its id, other names are ignored, and a `.data`
/// name whose stem does not parse as a u32 makes the directory invalid.
pub fn data_file_ids(names: &Vec<Vec<u8>>) -> (r: Result<Vec<u32>, Errors>)
    ensures
        (match r {
            Ok(ids) => {
                &&& names_ok(names.deep_view())
                &&& ids_sorted(ids@)
                &&& ids@.to_multiset() == parsed_ids(names.deep_view()).to_multiset()
            },
            Err(e) => e == Errors::DataDirectoryInvalid && !names_ok(names.deep_view()),
        }),
{
    let ghost nv = names.deep_view();
    proof {
        assert forall|t: int| 0 <= t < names@.len() implies #[trigger] nv[t] == names@[t]@ by {
            assert(nv[t] =~= names@[t]@);
        }
    }
    let mut ids: Vec<u32> = Vec::new();
    let mut i: usize = 0;
    while i < names.len()
        invariant
            0 <= i as int <= names@.len(),
            nv == names.deep_view(),
            nv.len() == names@.len(),
            forall|t: int| 0 <= t < names@.len() ==> #[trigger] nv[t] == names@[t]@,
            names_ok(nv.take(i as int)),
            ids_sorted(ids@),
            ids@.to_multiset() == parsed_ids(nv.take(i as int)).to_multiset(),
        decreases names@.len() - i as int,
    {
        let ghost prev = nv.take(i as int);
        proof {
            assert(nv.take(i + 1).drop_last() =~= prev);
            assert(nv.take(i + 1).last() == nv[i as int]);
        }
        match parse_data_file_name(&names[i]) {
            Ok(id_opt) => {
                match id_opt {
                    None => {
                        proof {
                            assert(!valid_data_file_name(nv[i as int]));
                            assert(parsed_ids(nv.take(i + 1)) == parsed_ids(prev));
                            assert forall|t: int|
                                0 <= t < i + 1 && has_data_suffix(
                                    #[trigger] nv.take(i + 1)[t],
                                ) implies valid_data_file_name(nv.take(i + 1)[t]) by {
                                assert(nv.take(i + 1)[t] == nv[t]);
                                if t < i {
                                    assert(prev[t] == nv[t]);
                                }
                            }
                        }
                    },
                    Some(id) => {
                        insert_sorted(&mut ids, id);
                        proof {
                            assert(parsed_ids(nv.take(i + 1)) == parsed_ids(prev).push(id));
                            parsed_ids(prev).to_multiset_ensures();
                            assert(parsed_ids(prev).push(id).to_multiset() =~= parsed_ids(
                                prev,
                            ).to_multiset().insert(id));
                            assert forall|t: int|
                                0 <= t < i + 1 && has_data_suffix(
                                    #[trigger] nv.take(i + 1)[t],
                                ) implies valid_data_file_name(nv.take(i + 1)[t]) by {
                                assert(nv.take(i + 1)[t] == nv[t]);
                                if t < i {
                                    assert(prev[t] == nv[t]);
                                }
                            }
                        }
                    },
                }
            },
            Err(e) => {
                proof {
                    assert(has_data_suffix(nv[i as int]) && !valid_data_file_name(nv[i as int]));
                }
                return Err(e);
            },
        }
        i = i + 1;
    }
    proof {
        assert(nv.take(names@.len() as int) =~= nv);
    }
    Ok(ids)
}

// ------------------------------------------------------------------
// Option validation
// ------------------------------------------------------------------

/// Validates options before an open: the directory path must be non-empty
/// and the file size positive.
pub fn check_options(opts: &Options) -> (r: Option<Errors>)
    ensures
        (match r {
            Some(e) => (e == Errors::DirPathIsEmpty && opts.dir_path@.len() == 0) || (e
                == Errors::FileSizeTooSmall && opts.dir_path@.len() > 0 && opts.file_size == 0),
            None => opts.dir_path@.len() > 0 && opts.file_size > 0,
        }),
{
    if opts.dir_path.as_str().is_empty() {
        return Some(Errors::DirPathIsEmpty);
    }
    if opts.file_size == 0 {
        return Some(Errors::FileSizeTooSmall);
    }
    None
}

} // verus!
