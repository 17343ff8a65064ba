use vstd::prelude::*;

verus! {

/// Every failure of the store, by kind.
#[derive(Debug, Clone, Copy, PartialEq, Eq, Structural)]
pub enum Errors {
    FailedToReadDataFromDataFile,
    FailedToWriteDataToDataFile,
    FailedSyncDataFile,
    FailedOpenDataFile,
    KeyIsEmpty,
    ValueIsEmpty,
    IndexUpdateFailed,
    KeyNotFound,
    DataFileNotFound,
    DirPathIsEmpty,
    DataFileSizeTooSmall,
    FailedToCreateDatabaseDir,
    FailedToReadDatabaseDir,
    FailedToCopyDir,
    DataDirCorrupted,
    ReadDataFileEof,
    InvalidLogRecordCrc,
    ExceedMaxBatchNum,
    MergeInProgress,
    DatabaseIsUsing,
    UnableToUseWriteBatch,
    InvalidDataFileMergeRatio,
    MergeRatioUnreached,
    MergeNoEnoughSpace,
}

pub type Result<T> = core::result::Result<T, Errors>;

} // verus!
