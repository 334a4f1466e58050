use vstd::prelude::*;

verus! {

/// Errors of the storage engine.
#[derive(Debug, Clone, PartialEq, Eq)]
pub enum Error {
    /// An operating-system level failure, with its description.
    IoErr(String),
    BucketNotAtVerErr(String, u32),
    BucketNotWritableErr,
    VerNotWritable(u32, u32),
    StoreNotFoundErr,
    StoreNotWritableErr,
    MissingArgsErr,
    CommitLockedErr,
    SingleVersionErr,
    KeyNotFoundErr(u32),
    KeyNotMultipleErr(u32),
    VersionNotFoundErr(u32),
    /// A value read back from disk does not have the expected shape.
    DecodeErr,
    /// The block compressor refused its input.
    CompressErr,
    ParseIntErr,
    UnknownStr(String),
    Unknown,
}

impl Error {
    /// A short description of the error.
    pub fn message(&self) -> (r: String) {
        match self {
            Error::IoErr(m) => m.clone(),
            Error::BucketNotAtVerErr(_, _) => "bucket not found at version".to_owned(),
            Error::BucketNotWritableErr => "Bucket not writable".to_owned(),
            Error::VerNotWritable(_, _) => "Version no longer writable".to_owned(),
            Error::StoreNotFoundErr => "Store not found".to_owned(),
            Error::StoreNotWritableErr => "Store not writable".to_owned(),
            Error::MissingArgsErr => "Missing arguments".to_owned(),
            Error::CommitLockedErr => "Commit lock could not be acquired".to_owned(),
            Error::SingleVersionErr => "Only single version exists".to_owned(),
            Error::KeyNotFoundErr(_) => "Key not found".to_owned(),
            Error::KeyNotMultipleErr(_) => "Key not multiple of page size".to_owned(),
            Error::VersionNotFoundErr(_) => "Version not found".to_owned(),
            Error::DecodeErr => "Malformed index data".to_owned(),
            Error::CompressErr => "Compression error".to_owned(),
            Error::ParseIntErr => "Parse int error".to_owned(),
            Error::UnknownStr(m) => m.clone(),
            Error::Unknown => "Unknown error".to_owned(),
        }
    }
}

} // verus!
