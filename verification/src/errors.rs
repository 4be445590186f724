use vstd::prelude::*;

verus! {

/// Failures of the library's operations.
#[derive(Clone, Copy, PartialEq, Eq, Structural, Debug)]
pub enum PhraseError {
    /// The word list was missing or unreadable.
    WordSource,
    /// Fewer words were available than requested for a phrase.
    InsufficientWords,
    /// Practice was requested with no active phrase artifact present.
    NoActivePhrase,
    /// The active artifact could not be renamed into a backup slot.
    BackupRotationFailure,
    /// The chosen backup slot does not exist.
    BackupNotFound,
    /// A generic read, write or rename failure.
    IoFailure,
}

impl PhraseError {
    /// A human-readable description of the failure.
    pub fn message(&self) -> &'static str {
        match self {
            PhraseError::WordSource => "could not read the word list",
            PhraseError::InsufficientWords => "not enough words to build a phrase",
            PhraseError::NoActivePhrase => "no active phrase to practice",
            PhraseError::BackupRotationFailure => "could not back up the existing phrase",
            PhraseError::BackupNotFound => "no such backup phrase",
            PhraseError::IoFailure => "a file operation failed",
        }
    }
}

} // verus!
