//! The failures that reading or patching an archive can end in.
use vstd::prelude::*;

verus! {

/// Why an archive could not be read or patched.
#[derive(Clone, Copy, Debug, PartialEq, Eq, Structural)]
pub enum PckError {
    /// The magic bytes are wrong or the header is cut short.
    MalformedHeader,
    /// The format version is not the supported one.
    UnsupportedVersion,
    /// The archive holds no entry.
    EmptyArchive,
    /// The bytes of an entry path are not UTF-8.
    InvalidPathEncoding,
    /// One path occurs twice in a batch.
    DuplicatePathInBatch,
    /// An entry that was to be updated is not in the index.
    EntryNotFound,
    /// The entry table would reach into the packed data.
    TableOverflow,
    /// A count or a size does not fit the field that holds it.
    FileTooLarge,
    /// A byte range lies outside the archive.
    IOFailure,
}

impl PckError {
    /// A short description of the failure.
    pub fn message(&self) -> (text: &'static str)
        ensures
            text@ == Self::message_text(*self),
    {
        match self {
            PckError::MalformedHeader => "malformed PCK header",
            PckError::UnsupportedVersion => "only PCK version 1 is supported",
            PckError::EmptyArchive => "no files in PCK",
            PckError::InvalidPathEncoding => "invalid UTF-8 in entry path",
            PckError::DuplicatePathInBatch => "duplicate path in batch",
            PckError::EntryNotFound => "entry not found in PCK",
            PckError::TableOverflow => "entry table would overlap file data",
            PckError::FileTooLarge => "count or size exceeds the field capacity",
            PckError::IOFailure => "byte range outside the archive",
        }
    }

    /// The text that `message` returns for each failure.
    pub open spec fn message_text(e: PckError) -> Seq<char> {
        match e {
            PckError::MalformedHeader => "malformed PCK header"@,
            PckError::UnsupportedVersion => "only PCK version 1 is supported"@,
            PckError::EmptyArchive => "no files in PCK"@,
            PckError::InvalidPathEncoding => "invalid UTF-8 in entry path"@,
            PckError::DuplicatePathInBatch => "duplicate path in batch"@,
            PckError::EntryNotFound => "entry not found in PCK"@,
            PckError::TableOverflow => "entry table would overlap file data"@,
            PckError::FileTooLarge => "count or size exceeds the field capacity"@,
            PckError::IOFailure => "byte range outside the archive"@,
        }
    }
}

} // verus!
