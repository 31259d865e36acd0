//! Telling an audio file's format by its extension, naming extracted
//! artwork, guessing an image's MIME type, and the wording of errors.

use vstd::prelude::*;
use crate::error::{ArtworkError, AudioFormat};

verus! {

/// What `str::to_lowercase` gives for `s`.
pub uninterp spec fn lowercased(s: Seq<char>) -> Seq<char>;

/// The lower-case form of `s`, by `str::to_lowercase` (Unicode's lower-case
/// mapping).
#[verifier::external_body]
fn lowercase(s: &str) -> (r: String)
    ensures
        r@ == lowercased(s@),
{
    s.to_lowercase()
}

/// What `mime_guess::from_path(path).first_or_octet_stream()` gives as text
/// for `path`.
pub uninterp spec fn guessed_mime_type(path: Seq<char>) -> Seq<char>;

/// The MIME type that `mime_guess` tells by the extension of `path`
/// (case-insensitively, without reading the file), or
/// `application/octet-stream` where it knows none; as text.
#[verifier::external_body]
pub(crate) fn guess_mime_type(path: &str) -> (r: String)
    ensures
        r@ == guessed_mime_type(path@),
{
    mime_guess::from_path(path).first_or_octet_stream().to_string()
}

/// `m` holds `png` at `i`.
pub open spec fn png_at(m: Seq<char>, i: int) -> bool {
    0 <= i && i + 3 <= m.len() && m[i] == 'p' && m[i + 1] == 'n' && m[i + 2] == 'g'
}

/// `m` holds `png` somewhere.
pub open spec fn mentions_png(m: Seq<char>) -> bool {
    exists|i: int| png_at(m, i)
}

/// Tells whether `m` holds `png` somewhere.
pub fn contains_png(m: &str) -> (r: bool)
    ensures
        r == mentions_png(m@),
{
    let n = m.unicode_len();
    let mut i: usize = 0;
    while i < n && n - i >= 3
        invariant
            n == m@.len(),
            i <= n,
            forall|j: int| 0 <= j < i ==> !png_at(m@, j),
        decreases n - i,
    {
        if m.get_char(i) == 'p' && m.get_char(i + 1) == 'n' && m.get_char(i + 2) == 'g' {
            assert(png_at(m@, i as int));
            return true;
        }
        i = i + 1;
    }
    assert forall|j: int| !png_at(m@, j) by {
        if png_at(m@, j) {
            assert(j < i);
        }
    }
    false
}

/// The format named by a lower-case extension.
pub open spec fn format_of(ext: Seq<char>) -> Option<AudioFormat> {
    if ext == "mp3"@ {
        Some(AudioFormat::Mp3)
    } else if ext == "m4a"@ || ext == "mp4"@ {
        Some(AudioFormat::M4a)
    } else if ext == "flac"@ {
        Some(AudioFormat::Flac)
    } else {
        None
    }
}

/// Tells the format of an audio file by its extension, compared in lower
/// case: `mp3`, `m4a` or `mp4`, `flac`.
pub fn audio_format(extension: Option<&str>) -> (r: Result<AudioFormat, ArtworkError>)
    ensures
        match extension {
            None => r matches Err(ArtworkError::NoExtension),
            Some(e) => match format_of(lowercased(e@)) {
                Some(f) => r == Ok::<AudioFormat, ArtworkError>(f),
                None => r matches Err(ArtworkError::UnsupportedFormat(u)) && u@ == lowercased(e@),
            },
        },
{
    let ext = match extension {
        Some(e) => lowercase(e),
        None => {
            return Err(ArtworkError::NoExtension);
        },
    };
    if ext == String::from_str("mp3") {
        Ok(AudioFormat::Mp3)
    } else if ext == String::from_str("m4a") || ext == String::from_str("mp4") {
        Ok(AudioFormat::M4a)
    } else if ext == String::from_str("flac") {
        Ok(AudioFormat::Flac)
    } else {
        Err(ArtworkError::UnsupportedFormat(ext))
    }
}

/// The file extension given to extracted artwork: `png` when its MIME type
/// mentions `png`, `jpg` otherwise.
pub open spec fn artwork_extension_for(mime: Seq<char>) -> Seq<char> {
    if mentions_png(mime) {
        "png"@
    } else {
        "jpg"@
    }
}

/// Names the file extension for extracted artwork of MIME type `mime`.
pub fn artwork_file_extension(mime: &str) -> (r: String)
    ensures
        r@ == artwork_extension_for(mime@),
{
    if contains_png(mime) {
        String::from_str("png")
    } else {
        String::from_str("jpg")
    }
}

/// Names the file that artwork extracted from an audio file whose name
/// without extension is `stem` is saved to: the stem, a dot, and the
/// extension for `mime`.
pub fn artwork_file_name(stem: &str, mime: &str) -> (r: String)
    ensures
        r@ == stem@ + "."@ + artwork_extension_for(mime@),
{
    let mut name = String::from_str(stem);
    name.append(".");
    let ext = artwork_file_extension(mime);
    name.append(ext.as_str());
    name
}

/// The wording of each error.
pub open spec fn error_message(e: ArtworkError) -> Seq<char> {
    match e {
        ArtworkError::NoExtension => "Cannot determine file extension"@,
        ArtworkError::UnsupportedFormat(ext) => "Unsupported format: "@ + ext@,
        ArtworkError::NoArtwork(AudioFormat::Mp3) => "No artwork found in MP3"@,
        ArtworkError::NoArtwork(AudioFormat::M4a) => "No artwork found in M4A"@,
        ArtworkError::NoArtwork(AudioFormat::Flac) => "No artwork found in FLAC"@,
        ArtworkError::MoovNotFound => "moov atom not found"@,
    }
}

impl ArtworkError {
    /// The error's message.
    pub fn message(&self) -> (r: String)
        ensures
            r@ == error_message(*self),
    {
        match self {
            ArtworkError::NoExtension => String::from_str("Cannot determine file extension"),
            ArtworkError::UnsupportedFormat(ext) => {
                let mut m = String::from_str("Unsupported format: ");
                m.append(ext.as_str());
                m
            },
            ArtworkError::NoArtwork(AudioFormat::Mp3) => String::from_str(
                "No artwork found in MP3",
            ),
            ArtworkError::NoArtwork(AudioFormat::M4a) => String::from_str(
                "No artwork found in M4A",
            ),
            ArtworkError::NoArtwork(AudioFormat::Flac) => String::from_str(
                "No artwork found in FLAC",
            ),
            ArtworkError::MoovNotFound => String::from_str("moov atom not found"),
        }
    }
}

} // verus!
