use vstd::prelude::*;

verus! {

/// Every failure the engine can report. `Corrupted` covers CRC mismatches and
/// malformed records found anywhere but the recoverable tail of the active
/// segment.
#[derive(Clone, Copy, Debug, PartialEq, Eq, Structural)]
pub enum Errors {
    FailedReadFromDataFile,
    FailedWriteToDataFile,
    FailedSyncDataFile,
    FailedToOpenDataFile,
    KeyIsEmpty,
    IndexUpdateFailed,
    KeyNotFound,
    DataFileNotFound,
    DirPathEmpty,
    DataFileSizeIllegal,
    FailedToCreateDatabaseDir,
    Corrupted,
}

impl Errors {
    /// A human-readable description, in place of a `Display` impl.
    pub fn message(&self) -> &'static str {
        match self {
            Errors::FailedReadFromDataFile => "failed to read from data file",
            Errors::FailedWriteToDataFile => "failed to write to data file",
            Errors::FailedSyncDataFile => "failed sync data to file",
            Errors::FailedToOpenDataFile => "failed to open file",
            Errors::KeyIsEmpty => "key is empty",
            Errors::IndexUpdateFailed => "memory index failed to update",
            Errors::KeyNotFound => "key is not found in database",
            Errors::DataFileNotFound => "datafile is not found in database",
            Errors::DirPathEmpty => "dir path is empty",
            Errors::DataFileSizeIllegal => "data file size must be greater than 0",
            Errors::FailedToCreateDatabaseDir => "create dir path all error",
            Errors::Corrupted => "data corruption detected",
        }
    }
}

} // verus!
