use vstd::prelude::*;

verus! {

/// Every failure the store reports.
#[derive(Debug, Clone, Copy, PartialEq, Eq, Structural)]
pub enum Errors {
    FailedToReadFromDataFile,
    FailedToWriteToDataFile,
    FailedToSyncDataFile,
    FailedToOpenDataFile,
    KeyIsEmpty,
    KeyNotFound,
    IndexUpdateFailed,
    DataFileNotFound,
    DirPathIsEmpty,
    DataFileSizeIsInvalid,
    FailedToCreateDatabaseDir,
    FailedToReadDatabaseDir,
    DataDirCorrupted,
    /// Fewer bytes remain than the record at this offset needs: the end of the log.
    ReadDataFileEOF,
    /// The stored checksum does not match the record's bytes.
    InvalidLogRecordCrc,
    /// The record's header cannot be a header of any encoded record.
    MalformedLogRecord,
    /// The record's header asks for more bytes than the file holds.
    IncompleteLogRecord,
    /// A new data file would need an id past the largest one.
    DataFileIdExhausted,
}

impl Errors {
    /// A failure reported by the storage backend.
    pub open spec fn is_io(self) -> bool {
        self == Errors::FailedToReadFromDataFile || self == Errors::FailedToWriteToDataFile || self
            == Errors::FailedToSyncDataFile || self == Errors::FailedToOpenDataFile
    }

    /// A human-readable description of the error.
    pub fn message(&self) -> (r: String) {
        let s = match self {
            Errors::FailedToReadFromDataFile => "failed to read from data file",
            Errors::FailedToWriteToDataFile => "failed to write to data file",
            Errors::FailedToSyncDataFile => "failed to sync data file",
            Errors::FailedToOpenDataFile => "failed to open data file",
            Errors::KeyIsEmpty => "the key is empty",
            Errors::KeyNotFound => "the key is not found in database",
            Errors::IndexUpdateFailed => "memory index failed to update",
            Errors::DataFileNotFound => "the data file is not found in database",
            Errors::DirPathIsEmpty => "the dir path is empty",
            Errors::DataFileSizeIsInvalid => "the data file size is invalid",
            Errors::FailedToCreateDatabaseDir => "failed to create database dir",
            Errors::FailedToReadDatabaseDir => "failed to read database dir",
            Errors::DataDirCorrupted => "database dir maybe corrupted",
            Errors::ReadDataFileEOF => "read data file eof",
            Errors::InvalidLogRecordCrc => "invalid crc value, log record maybe corrupted",
            Errors::MalformedLogRecord => "malformed log record header",
            Errors::IncompleteLogRecord => "log record is cut short, data file maybe corrupted",
            Errors::DataFileIdExhausted => "no data file id is left",
        };
        s.to_string()
    }
}

/// Result type of the store's operations.
pub type Result<T> = core::result::Result<T, Errors>;

} // verus!
