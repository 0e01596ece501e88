//! The reasons for which a rename can fail.

use vstd::prelude::*;

verus! {

/// Why a batch, or one file of it, could not be renamed.
#[derive(Clone, Copy, Debug, PartialEq, Eq, Structural)]
pub enum ErrorKind {
    /// The directory could not be read. Ends the whole batch.
    InvalidDirectory,
    /// A pattern is not well formed, or the matching engine refused what it
    /// was lowered to. Ends the whole batch.
    MalformedPattern,
    /// A file name does not have the shape of the source pattern.
    PatternMismatch,
    /// The destination pattern names a placeholder that the source pattern
    /// does not capture.
    UnknownPlaceholder,
    /// The file system refused to rename the file.
    RenameIOFailure,
}

/// The words in which a kind of failure is told.
pub open spec fn message_spec(kind: ErrorKind) -> Seq<char> {
    match kind {
        ErrorKind::InvalidDirectory => "Invalid folder path"@,
        ErrorKind::MalformedPattern => "Invalid Pattern Generated"@,
        ErrorKind::PatternMismatch => "Pattern not found"@,
        ErrorKind::UnknownPlaceholder => "Unknown placeholder"@,
        ErrorKind::RenameIOFailure => "Rename failed"@,
    }
}

impl ErrorKind {
    /// True of the kinds that end a batch before any file is looked at.
    pub open spec fn spec_is_batch_level(self) -> bool {
        self == ErrorKind::InvalidDirectory || self == ErrorKind::MalformedPattern
    }

    /// Whether this kind ends the whole batch, rather than being recorded
    /// for one file while the batch goes on.
    #[verifier::when_used_as_spec(spec_is_batch_level)]
    pub fn is_batch_level(self) -> (batch: bool)
        ensures
            batch == self.spec_is_batch_level(),
    {
        match self {
            ErrorKind::InvalidDirectory => true,
            ErrorKind::MalformedPattern => true,
            ErrorKind::PatternMismatch => false,
            ErrorKind::UnknownPlaceholder => false,
            ErrorKind::RenameIOFailure => false,
        }
    }

    /// The words in which this kind of failure is told.
    pub fn message(self) -> (text: String)
        ensures
            text@ == message_spec(self),
    {
        match self {
            ErrorKind::InvalidDirectory => "Invalid folder path".to_owned(),
            ErrorKind::MalformedPattern => "Invalid Pattern Generated".to_owned(),
            ErrorKind::PatternMismatch => "Pattern not found".to_owned(),
            ErrorKind::UnknownPlaceholder => "Unknown placeholder".to_owned(),
            ErrorKind::RenameIOFailure => "Rename failed".to_owned(),
        }
    }
}

} // verus!
