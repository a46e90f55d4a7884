use vstd::prelude::*;

use crate::path::SongPath;

verus! {

/// The abstract value of an [`Error`]: the same variants over path views.
pub enum ErrorView {
    Probe,
    Io,
    MissingMetadata,
    AlreadyExists { src: Seq<u8>, dest: Seq<u8> },
}

/// What can go wrong while fingerprinting or planning.
///
/// `Probe` stands for a malformed container or a mid-stream decode
/// failure reported by the probing collaborator; `Io` for not reaching
/// the file at all. `MissingMetadata` marks a song without the tags an
/// operation needs, and `AlreadyExists` a planning conflict: the
/// canonical destination is already occupied by a different file.
#[derive(Debug)]
pub enum Error {
    Probe,
    Io,
    MissingMetadata,
    AlreadyExists { src: SongPath, dest: SongPath },
}

impl View for Error {
    type V = ErrorView;

    open spec fn view(&self) -> ErrorView {
        match self {
            Error::Probe => ErrorView::Probe,
            Error::Io => ErrorView::Io,
            Error::MissingMetadata => ErrorView::MissingMetadata,
            Error::AlreadyExists { src, dest } => ErrorView::AlreadyExists {
                src: src@,
                dest: dest@,
            },
        }
    }
}

impl Error {
    /// An owned copy of this error.
    pub fn duplicate(&self) -> (r: Error)
        ensures
            r@ == self@,
    {
        match self {
            Error::Probe => Error::Probe,
            Error::Io => Error::Io,
            Error::MissingMetadata => Error::MissingMetadata,
            Error::AlreadyExists { src, dest } => Error::AlreadyExists {
                src: src.duplicate(),
                dest: dest.duplicate(),
            },
        }
    }
}

} // verus!
