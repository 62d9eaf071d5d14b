//! The errors that the store reports.

use vstd::prelude::*;

verus! {

/// Every failure the store reports, grouped by kind: bad input, failed
/// lookups, I/O, integrity, the end-of-file sentinel and concurrency.
#[derive(Debug, Clone, Copy, PartialEq, Eq, Structural)]
pub enum Errors {
    ReadFromDataFileError,
    WriteToDataFileError,
    SyncFileError,
    OpenFileError,
    KeyIsEmpty,
    FailedToUpdateIndex,
    KeyNotFound,
    DataFileNotFound,
    DirPathIsEmpty,
    DataFileSizeIsTooSmall,
    FailedToCreateDatabaseDir,
    FailedToReadDatabaseDir,
    FailedToGetDirEntry,
    FailedToParseFileId,
    ReadDataFileEof,
    InvalidLogRecordCrc,
    BatchSizeExceeded,
    MergeInProgress,
    RemoveDirError,
    UnableToUseWriteBatch,
    FailedToCreateFileLock,
    DatabaseIsUsing,
    FailedToUnlockFileLock,
}

impl Errors {
    /// A human-readable description of the error.
    pub fn message(&self) -> (r: String) {
        let s = match self {
            Errors::ReadFromDataFileError => "Failed to read from data file",
            Errors::WriteToDataFileError => "Failed to write to data file",
            Errors::SyncFileError => "Failed to sync file",
            Errors::OpenFileError => "Failed to open file",
            Errors::KeyIsEmpty => "Key is empty",
            Errors::FailedToUpdateIndex => "Failed to update index",
            Errors::KeyNotFound => "Key not found",
            Errors::DataFileNotFound => "Data file not found",
            Errors::DirPathIsEmpty => "Dir path is empty",
            Errors::DataFileSizeIsTooSmall => "Data file size is too small",
            Errors::FailedToCreateDatabaseDir => "Failed to create database dir",
            Errors::FailedToReadDatabaseDir => "Failed to read database dir",
            Errors::FailedToGetDirEntry => "Failed to get dir entry",
            Errors::FailedToParseFileId => "Failed to parse file id",
            Errors::ReadDataFileEof => "Read data file eof",
            Errors::InvalidLogRecordCrc => "Invalid log record crc",
            Errors::BatchSizeExceeded => "Batch size exceeded",
            Errors::MergeInProgress => "Merge in progress, try again later",
            Errors::RemoveDirError => "Failed to remove dir",
            Errors::UnableToUseWriteBatch => "Unable to use write batch",
            Errors::FailedToCreateFileLock => "Failed to create file lock",
            Errors::DatabaseIsUsing => "Database is using",
            Errors::FailedToUnlockFileLock => "Failed to unlock file lock",
        };
        s.to_string()
    }
}

} // verus!
