//! The library's error types. Upload operations report validation, state and
//! conflict errors; the import engine reports why a whole file was refused
//! before any row was merged. Row-level problems are never errors: they are
//! counted in the import summary instead.

use vstd::prelude::*;

verus! {

/// Why an upload operation was refused. No mutation has happened when one of
/// these is returned.
#[derive(Clone, Copy, Debug, PartialEq, Eq, Structural)]
pub enum UploadError {
    /// `start_upload` with an identifier that is empty after trimming.
    EmptyUploadId,
    /// `start_upload` with a file name that does not end in `.csv`.
    UnsupportedExtension,
    /// `start_upload` with a declared size over the accepted maximum.
    FileTooLarge,
    /// `start_upload` with a chunk size of zero.
    ZeroChunkSize,
    /// `start_upload` with a chunk count that disagrees with the size.
    ChunkCountMismatch,
    /// `start_upload` with an identifier that is already in use.
    SessionAlreadyExists,
    /// An operation on an identifier with no session.
    SessionNotFound,
    /// A chunk sent to a session that was already finished.
    SessionCompleted,
    /// A chunk whose declared total disagrees with the session's.
    TotalChunksMismatch,
    /// A chunk index at or past the session's chunk count.
    ChunkIndexOutOfRange,
    /// A chunk index re-sent with a different fingerprint.
    FingerprintMismatch,
    /// A chunk payload that is not valid standard base64.
    ChunkNotBase64,
    /// A chunk payload whose length is not the one its index demands.
    ChunkLengthMismatch,
    /// `finish_upload` while at least one chunk is missing.
    UploadIncomplete,
}

/// Why a word-list operation was refused.
#[derive(Clone, Copy, Debug, PartialEq, Eq, Structural)]
pub enum WordListError {
    /// A collection name that is empty after trimming.
    EmptyName,
    /// A collection name that is already taken.
    NameExists,
    /// An id that names no collection.
    ListNotFound,
    /// No collection is currently selected.
    NoActiveList,
}

/// Why a study operation was refused.
#[derive(Clone, Copy, Debug, PartialEq, Eq, Structural)]
pub enum LearningError {
    /// A word id that is not positive.
    InvalidWordId,
    /// An id that names no word record.
    WordNotFound,
    /// No collection is currently selected.
    NoActiveList,
    /// The selected collection holds no words.
    NoWordsAvailable,
}

/// Why an import was refused. When one of these is returned, neither the word
/// store nor any upload session has been changed by the failing step.
#[derive(Clone, Debug)]
pub enum ImportError {
    /// The target collection does not exist.
    CollectionNotFound,
    /// The header lacks a required column; `name` is the first missing one.
    MissingColumn { name: String },
    /// A batch entry names an identifier with no session.
    SessionNotFound,
    /// A batch entry names a session that was never finished.
    UploadNotFinished,
    /// A finished upload whose bytes are not valid UTF-8 text.
    InvalidEncoding,
}

} // verus!
