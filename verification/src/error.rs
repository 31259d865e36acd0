//! The formats the library knows and the ways a request can fail.

use vstd::prelude::*;

verus! {

/// An audio container whose artwork the library reads and writes.
#[derive(Clone, Copy, Debug, PartialEq, Eq, Structural)]
pub enum AudioFormat {
    Mp3,
    M4a,
    Flac,
}

/// Why artwork could not be read or written.
#[derive(Debug)]
pub enum ArtworkError {
    /// The file name has no extension to tell its format by.
    NoExtension,
    /// The extension (lower-cased) names no format the library handles.
    UnsupportedFormat(String),
    /// The file holds no picture.
    NoArtwork(AudioFormat),
    /// The MP4 container has no `moov` atom among its top-level atoms.
    MoovNotFound,
}

} // verus!
