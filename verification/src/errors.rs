//! The error taxonomy of the engine, grouped by cause.

use vstd::prelude::*;

verus! {

/// Every way an engine operation can fail.
///
/// `ReadDataFileEOF` is internal: the bootstrap replay treats it as
/// end-of-log and it never surfaces to `put`/`get`/`delete` callers.
#[derive(Clone, Copy, Debug, PartialEq, Eq, Structural)]
pub enum Errors {
    FailedToReadFromDataFile,
    FailedToWriteToDataFile,
    FailedToSyncDataFile,
    FailedToOpenDataFile,
    KeyIsEmpty,
    IndexUpdateError,
    RecordNotFound,
    DataFileNotFound,
    DirPathIsEmpty,
    FileSizeTooSmall,
    FailedToCreateDataBaseDir,
    FailedToReadDataBaseDir,
    DataDirectoryInvalid,
    ReadDataFileEOF,
    InvalidRecordCrc,
}

} // verus!
